//! Properties of the ledger that relate several operations, stated over the
//! model that the operations' contracts use.

use vstd::prelude::*;

use crate::error::LedgerError;
use crate::model::{
    balance_in, has_entry, sum_of, lemma_absent_is_zero, lemma_transfer, TokenState,
};

verus! {

/// The state reached from `s` by attempting each `(caller, receiver, amount)`
/// transfer of `steps` in order; a transfer that fails leaves the state as it was.
pub open spec fn run_transfers(s: TokenState, steps: Seq<(Seq<char>, Seq<char>, nat)>) -> TokenState
    decreases steps.len(),
{
    if steps.len() == 0 {
        s
    } else {
        let before = run_transfers(s, steps.drop_last());
        let step = steps.last();
        match before.transfer_outcome(step.0, step.1, step.2) {
            Ok(next) => next,
            Err(_) => before,
        }
    }
}

/// A new ledger holds exactly `supply` units, all of them in `holder`'s
/// account; every other account holds nothing.
pub proof fn initialize_credits_holder(holder: Seq<char>, supply: nat, other: Seq<char>)
    requires
        supply <= u128::MAX,
    ensures
        TokenState::initial(holder, supply).wf(),
        TokenState::initial(holder, supply).total_supply == supply,
        TokenState::initial(holder, supply).balance(holder) == supply,
        other != holder ==> TokenState::initial(holder, supply).balance(other) == 0,
{
    let e = TokenState::initial(holder, supply).entries;
    assert(e.drop_first() =~= Seq::<(Seq<char>, nat)>::empty());
    assert(balance_in(e.drop_first(), other) == 0);
    assert(sum_of(e.drop_first()) == 0);
}

/// Conservation: after any sequence of transfers from a well-formed state,
/// each account still has at most one record and the balances of all
/// accounts add up to the unchanged total supply.
pub proof fn transfers_conserve_supply(s: TokenState, steps: Seq<(Seq<char>, Seq<char>, nat)>)
    requires
        s.wf(),
    ensures
        run_transfers(s, steps).wf(),
        run_transfers(s, steps).total_supply == s.total_supply,
        run_transfers(s, steps).sum_of_balances() == s.total_supply,
    decreases steps.len(),
{
    if steps.len() > 0 {
        transfers_conserve_supply(s, steps.drop_last());
        let step = steps.last();
        lemma_transfer(run_transfers(s, steps.drop_last()), step.0, step.1, step.2);
    }
}

/// A transfer of more than the caller holds fails with `InsufficientFunds`,
/// which leaves every balance as it was.
pub proof fn overdraft_is_refused(
    s: TokenState,
    caller: Seq<char>,
    receiver: Seq<char>,
    amount: nat,
)
    requires
        amount > s.balance(caller),
    ensures
        s.transfer_outcome(caller, receiver, amount) == Err::<TokenState, LedgerError>(
            LedgerError::InsufficientFunds,
        ),
{
}

/// A transfer of zero units always succeeds and changes no balance.
pub proof fn zero_transfer_changes_nothing(s: TokenState, caller: Seq<char>, receiver: Seq<char>)
    requires
        s.wf(),
    ensures
        s.transfer_outcome(caller, receiver, 0) is Ok,
        forall|a: Seq<char>| #[trigger]
            s.transfer_outcome(caller, receiver, 0)->Ok_0.balance(a) == s.balance(a),
{
    lemma_transfer(s, caller, receiver, 0);
}

/// A transfer to oneself of no more than one holds succeeds and leaves the
/// state, and so one's balance, as it was.
pub proof fn self_transfer_changes_nothing(s: TokenState, caller: Seq<char>, amount: nat)
    requires
        amount <= s.balance(caller),
    ensures
        s.transfer_outcome(caller, caller, amount) == Ok::<TokenState, LedgerError>(s),
        s.transfer_outcome(caller, caller, amount)->Ok_0.balance(caller) == s.balance(caller),
{
}

/// An account that the ledger has no record of has balance 0.
pub proof fn unknown_account_holds_nothing(s: TokenState, account: Seq<char>)
    requires
        !has_entry(s.entries, account),
    ensures
        s.balance(account) == 0,
{
    lemma_absent_is_zero(s.entries, account);
}

} // verus!
