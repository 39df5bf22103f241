//! The executable ledger.

use vstd::prelude::*;

use crate::error::LedgerError;
use crate::model::{
    balance_after_transfer, has_entry, lemma_absent_is_zero, lemma_transfer, lemma_first_record, lemma_no_record, sum_of, with_balance,
    TokenState,
};

verus! {

/// An account identifier, validated by the host before it reaches the ledger.
pub type AccountId = String;

/// The supply that a freshly deployed token starts with.
pub const DEFAULT_TOTAL_SUPPLY: u128 = 100;

/// A fixed-supply token: one record per account, and the total supply.
pub struct FungibleToken {
    user_accounts: Vec<(AccountId, u128)>,
    total_supply: u128,
}

/// The balances of two distinct accounts after `amount` units move from the
/// first to the second, or the reason the move cannot happen.
pub fn transfer_amounts(caller_balance: u128, receiver_balance: u128, amount: u128) -> (r: Result<
    (u128, u128),
    LedgerError,
>)
    ensures
        amount > caller_balance ==> r == Err::<(u128, u128), LedgerError>(
            LedgerError::InsufficientFunds,
        ),
        amount <= caller_balance && receiver_balance + amount > u128::MAX ==> r == Err::<
            (u128, u128),
            LedgerError,
        >(LedgerError::ArithmeticOverflow),
        amount <= caller_balance && receiver_balance + amount <= u128::MAX ==> r == Ok::<
            (u128, u128),
            LedgerError,
        >(((caller_balance - amount) as u128, (receiver_balance + amount) as u128)),
{
    if amount > caller_balance {
        return Err(LedgerError::InsufficientFunds);
    }
    match receiver_balance.checked_add(amount) {
        Some(credited) => Ok((caller_balance - amount, credited)),
        None => Err(LedgerError::ArithmeticOverflow),
    }
}

impl View for FungibleToken {
    type V = TokenState;

    closed spec fn view(&self) -> TokenState {
        TokenState {
            entries: self.user_accounts@.map_values(|p: (AccountId, u128)| (p.0@, p.1 as nat)),
            total_supply: self.total_supply as nat,
        }
    }
}

impl FungibleToken {
    /// A ledger whose whole `total_supply` is held by `initial_holder`.
    pub fn initialize(initial_holder: AccountId, total_supply: u128) -> (r: FungibleToken)
        ensures
            r@ == TokenState::initial(initial_holder@, total_supply as nat),
            r@.wf(),
    {
        let mut user_accounts: Vec<(AccountId, u128)> = Vec::new();
        user_accounts.push((initial_holder, total_supply));
        let r = FungibleToken { user_accounts, total_supply };
        proof {
            let e = r@.entries;
            assert(e =~= seq![(initial_holder@, total_supply as nat)]);
            assert(e.drop_first() =~= Seq::<(Seq<char>, nat)>::empty());
            assert(sum_of(e.drop_first()) == 0);
        }
        r
    }

    /// A ledger as first deployed: `DEFAULT_TOTAL_SUPPLY` units, all held by
    /// `initial_holder`.
    pub fn with_default_supply(initial_holder: AccountId) -> (r: FungibleToken)
        ensures
            r@ == TokenState::initial(initial_holder@, DEFAULT_TOTAL_SUPPLY as nat),
            r@.wf(),
    {
        FungibleToken::initialize(initial_holder, DEFAULT_TOTAL_SUPPLY)
    }

    /// The number of units in existence.
    pub fn get_total_supply(&self) -> (r: u128)
        ensures
            r == self@.total_supply,
    {
        self.total_supply
    }

    /// Moves `tokens` units from `caller` to `receiver_id`. Fails with
    /// `InsufficientFunds`, changing nothing, when `caller` holds fewer than
    /// `tokens` units.
    pub fn transfer(&mut self, caller: AccountId, receiver_id: AccountId, tokens: u128) -> (r: Result<
        (),
        LedgerError,
    >)
        requires
            old(self)@.wf(),
        ensures
            final(self)@.wf(),
            match old(self)@.transfer_outcome(caller@, receiver_id@, tokens as nat) {
                Ok(next) => r is Ok && final(self)@ == next,
                Err(e) => r == Err::<(), LedgerError>(e) && final(self)@ == old(self)@,
            },
            r is Ok <==> tokens <= old(self)@.balance(caller@),
            r is Err ==> r == Err::<(), LedgerError>(LedgerError::InsufficientFunds),
            r is Ok ==> forall|a: Seq<char>|
                #[trigger] final(self)@.balance(a) == balance_after_transfer(
                    a,
                    caller@,
                    receiver_id@,
                    tokens as nat,
                    old(self)@.balance(a),
                ),
            final(self)@.total_supply == old(self)@.total_supply,
    {
        proof {
            lemma_transfer(self@, caller@, receiver_id@, tokens as nat);
        }
        let sender_balance = self.balance_at(&caller, self.position_of(&caller));
        if caller == receiver_id {
            if tokens <= sender_balance {
                return Ok(());
            } else {
                return Err(LedgerError::InsufficientFunds);
            }
        }
        let receiver_balance = self.balance_at(&receiver_id, self.position_of(&receiver_id));
        match transfer_amounts(sender_balance, receiver_balance, tokens) {
            Ok((debited, credited)) => {
                self.set_balance(caller, debited);
                self.set_balance(receiver_id, credited);
                Ok(())
            },
            Err(e) => Err(e),
        }
    }

    /// The position of `account`'s first record, if it has one.
    fn position_of(&self, account: &AccountId) -> (r: Option<usize>)
        ensures
            match r {
                Some(i) => {
                    &&& i < self@.entries.len()
                    &&& self@.entries[i as int].0 == account@
                    &&& forall|j: int| 0 <= j < i ==> self@.entries[j].0 != account@
                },
                None => forall|j: int| 0 <= j < self@.entries.len() ==> self@.entries[j].0 != account@,
            },
    {
        let mut i: usize = 0;
        while i < self.user_accounts.len()
            invariant
                i <= self.user_accounts.len(),
                forall|j: int| 0 <= j < i ==> self@.entries[j].0 != account@,
            decreases self.user_accounts.len() - i,
        {
            if self.user_accounts[i].0 == *account {
                return Some(i);
            }
            i = i + 1;
        }
        None
    }

    /// The balance of `account_id`, 0 for an account the ledger has no record of.
    pub fn get_balance_of(&self, account_id: AccountId) -> (r: u128)
        ensures
            r == self@.balance(account_id@),
            !has_entry(self@.entries, account_id@) ==> r == 0,
    {
        self.balance_at(&account_id, self.position_of(&account_id))
    }

    /// The balance held by the record at `pos`, as found by `position_of`.
    fn balance_at(&self, account: &AccountId, pos: Option<usize>) -> (r: u128)
        requires
            match pos {
                Some(i) => {
                    &&& i < self@.entries.len()
                    &&& self@.entries[i as int].0 == account@
                    &&& forall|j: int| 0 <= j < i ==> self@.entries[j].0 != account@
                },
                None => forall|j: int| 0 <= j < self@.entries.len() ==> self@.entries[j].0 != account@,
            },
        ensures
            r == self@.balance(account@),
            !has_entry(self@.entries, account@) ==> r == 0,
    {
        proof {
            if !has_entry(self@.entries, account@) {
                lemma_absent_is_zero(self@.entries, account@);
            }
        }
        match pos {
            Some(i) => {
                proof {
                    lemma_first_record(self@.entries, account@, i as int, 0);
                }
                self.user_accounts[i].1
            },
            None => {
                proof {
                    lemma_no_record(self@.entries, account@, 0);
                }
                0
            },
        }
    }

    /// Sets the balance of `account` to `amount`, creating its record if needed.
    fn set_balance(&mut self, account: AccountId, amount: u128)
        ensures
            final(self)@.entries == with_balance(old(self)@.entries, account@, amount as nat),
            final(self)@.total_supply == old(self)@.total_supply,
    {
        let pos = self.position_of(&account);
        let ghost key = account@;
        match pos {
            Some(i) => {
                proof {
                    lemma_first_record(self@.entries, key, i as int, amount as nat);
                }
                self.user_accounts.set(i, (account, amount));
                proof {
                    assert(self@.entries =~= old(self)@.entries.update(i as int, (key, amount as nat)));
                }
            },
            None => {
                proof {
                    lemma_no_record(self@.entries, key, amount as nat);
                }
                self.user_accounts.push((account, amount));
                proof {
                    assert(self@.entries =~= old(self)@.entries.push((key, amount as nat)));
                }
            },
        }
    }
}

} // verus!
