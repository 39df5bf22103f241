//! The mathematical model of a ledger: a sequence of account records and a
//! fixed total supply.

use vstd::prelude::*;

use crate::error::LedgerError;

verus! {

/// The balance recorded for `account`: the value of its first record, or 0
/// when it has none.
pub open spec fn balance_in(entries: Seq<(Seq<char>, nat)>, account: Seq<char>) -> nat
    decreases entries.len(),
{
    if entries.len() == 0 {
        0
    } else if entries[0].0 == account {
        entries[0].1
    } else {
        balance_in(entries.drop_first(), account)
    }
}

/// The records with `account`'s first record set to `amount`, or with a new
/// record for it appended when it has none.
pub open spec fn with_balance(
    entries: Seq<(Seq<char>, nat)>,
    account: Seq<char>,
    amount: nat,
) -> Seq<(Seq<char>, nat)>
    decreases entries.len(),
{
    if entries.len() == 0 {
        seq![(account, amount)]
    } else if entries[0].0 == account {
        entries.update(0, (account, amount))
    } else {
        seq![entries[0]] + with_balance(entries.drop_first(), account, amount)
    }
}

/// The sum of the values of all records.
pub open spec fn sum_of(entries: Seq<(Seq<char>, nat)>) -> nat
    decreases entries.len(),
{
    if entries.len() == 0 {
        0
    } else {
        entries[0].1 + sum_of(entries.drop_first())
    }
}

/// Whether some record belongs to `account`.
pub open spec fn has_entry(entries: Seq<(Seq<char>, nat)>, account: Seq<char>) -> bool {
    exists|i: int| 0 <= i < entries.len() && #[trigger] entries[i].0 == account
}

/// No account has two records.
pub open spec fn keys_unique(entries: Seq<(Seq<char>, nat)>) -> bool {
    forall|i: int, j: int| 0 <= i < j < entries.len() ==> #[trigger] entries[i].0 != #[trigger] entries[j].0
}

/// The abstract state of a ledger.
pub ghost struct TokenState {
    /// One record per account that has ever held or been sent units.
    pub entries: Seq<(Seq<char>, nat)>,
    /// The number of units in existence.
    pub total_supply: nat,
}

impl TokenState {
    /// The state right after creation: `supply` units, all held by `holder`.
    pub open spec fn initial(holder: Seq<char>, supply: nat) -> TokenState {
        TokenState { entries: seq![(holder, supply)], total_supply: supply }
    }

    /// The balance of `account`; 0 for an account without a record.
    pub open spec fn balance(self, account: Seq<char>) -> nat {
        balance_in(self.entries, account)
    }

    /// The sum of all balances.
    pub open spec fn sum_of_balances(self) -> nat {
        sum_of(self.entries)
    }

    /// Each account has at most one record, the balances add up to the total
    /// supply, and the supply fits the balance type.
    pub open spec fn wf(self) -> bool {
        &&& keys_unique(self.entries)
        &&& self.sum_of_balances() == self.total_supply
        &&& self.total_supply <= u128::MAX
    }

    /// What a transfer of `amount` units from `caller` to `receiver` yields:
    /// the next state, or the error that leaves the state as it was.
    pub open spec fn transfer_outcome(self, caller: Seq<char>, receiver: Seq<char>, amount: nat) -> Result<
        TokenState,
        LedgerError,
    > {
        if amount > self.balance(caller) {
            Err(LedgerError::InsufficientFunds)
        } else if caller == receiver {
            Ok(self)
        } else if self.balance(receiver) + amount > u128::MAX {
            Err(LedgerError::ArithmeticOverflow)
        } else {
            Ok(
                TokenState {
                    entries: with_balance(
                        with_balance(self.entries, caller, (self.balance(caller) - amount) as nat),
                        receiver,
                        self.balance(receiver) + amount,
                    ),
                    total_supply: self.total_supply,
                },
            )
        }
    }
}

/// Setting one account's balance leaves every other account's balance alone.
pub proof fn lemma_balance_with(
    entries: Seq<(Seq<char>, nat)>,
    account: Seq<char>,
    amount: nat,
    other: Seq<char>,
)
    ensures
        balance_in(with_balance(entries, account, amount), other) == if other == account {
            amount
        } else {
            balance_in(entries, other)
        },
    decreases entries.len(),
{
    let w = with_balance(entries, account, amount);
    if entries.len() == 0 {
        assert(w[0] == (account, amount));
        assert(w.drop_first() =~= Seq::<(Seq<char>, nat)>::empty());
        assert(balance_in(w.drop_first(), other) == 0);
    } else if entries[0].0 != account {
        lemma_balance_with(entries.drop_first(), account, amount, other);
        assert(w[0] == entries[0]);
        assert(w.drop_first() =~= with_balance(entries.drop_first(), account, amount));
    } else {
        assert(w[0] == (account, amount));
        assert(w.drop_first() =~= entries.drop_first());
    }
}

/// Setting one account's balance changes the sum by the difference.
pub proof fn lemma_sum_with(entries: Seq<(Seq<char>, nat)>, account: Seq<char>, amount: nat)
    ensures
        sum_of(with_balance(entries, account, amount)) + balance_in(entries, account) == sum_of(
            entries,
        ) + amount,
    decreases entries.len(),
{
    let w = with_balance(entries, account, amount);
    if entries.len() == 0 {
        assert(w[0] == (account, amount));
        assert(w.drop_first() =~= Seq::<(Seq<char>, nat)>::empty());
        assert(sum_of(w.drop_first()) == 0);
    } else if entries[0].0 != account {
        lemma_sum_with(entries.drop_first(), account, amount);
        assert(w[0] == entries[0]);
        assert(w.drop_first() =~= with_balance(entries.drop_first(), account, amount));
    } else {
        assert(w[0] == (account, amount));
        assert(w.drop_first() =~= entries.drop_first());
    }
}

/// Two distinct accounts together hold no more than the sum of all records.
pub proof fn lemma_two_balances_le_sum(
    entries: Seq<(Seq<char>, nat)>,
    a: Seq<char>,
    b: Seq<char>,
)
    requires
        a != b,
    ensures
        balance_in(entries, a) + balance_in(entries, b) <= sum_of(entries),
    decreases entries.len(),
{
    if entries.len() > 0 {
        let rest = entries.drop_first();
        lemma_two_balances_le_sum(rest, a, b);
        lemma_balance_le_sum(rest, a);
        lemma_balance_le_sum(rest, b);
    }
}

/// No account holds more than the sum of all records.
pub proof fn lemma_balance_le_sum(entries: Seq<(Seq<char>, nat)>, account: Seq<char>)
    ensures
        balance_in(entries, account) <= sum_of(entries),
    decreases entries.len(),
{
    if entries.len() > 0 {
        lemma_balance_le_sum(entries.drop_first(), account);
    }
}

/// An account without a record has balance 0.
pub proof fn lemma_absent_is_zero(entries: Seq<(Seq<char>, nat)>, account: Seq<char>)
    requires
        !has_entry(entries, account),
    ensures
        balance_in(entries, account) == 0,
    decreases entries.len(),
{
    if entries.len() > 0 {
        let rest = entries.drop_first();
        assert(entries[0].0 != account);
        assert forall|i: int| 0 <= i < rest.len() implies rest[i].0 != account by {
            assert(rest[i] == entries[i + 1]);
        }
        lemma_absent_is_zero(rest, account);
    }
}

/// Setting a balance keeps at most one record per account.
pub proof fn lemma_unique_with(entries: Seq<(Seq<char>, nat)>, account: Seq<char>, amount: nat)
    requires
        keys_unique(entries),
    ensures
        keys_unique(with_balance(entries, account, amount)),
        forall|k: Seq<char>|
            has_entry(with_balance(entries, account, amount), k) <==> (has_entry(entries, k) || k
                == account),
    decreases entries.len(),
{
    let w = with_balance(entries, account, amount);
    if entries.len() == 0 {
        assert forall|k: Seq<char>| has_entry(w, k) <==> (has_entry(entries, k) || k == account) by {
            if k == account {
                assert(w[0].0 == k);
            }
        }
    } else if entries[0].0 == account {
        assert forall|k: Seq<char>| has_entry(w, k) <==> (has_entry(entries, k) || k == account) by {
            if has_entry(entries, k) {
                let i = choose|i: int| 0 <= i < entries.len() && entries[i].0 == k;
                assert(w[i].0 == k);
            }
            if has_entry(w, k) {
                let i = choose|i: int| 0 <= i < w.len() && w[i].0 == k;
                assert(entries[i].0 == k);
            }
            if k == account {
                assert(entries[0].0 == k);
            }
        }
    } else {
        let rest = entries.drop_first();
        assert(keys_unique(rest)) by {
            assert forall|i: int, j: int| 0 <= i < j < rest.len() implies rest[i].0 != rest[j].0 by {
                assert(rest[i] == entries[i + 1] && rest[j] == entries[j + 1]);
            }
        }
        lemma_unique_with(rest, account, amount);
        let wr = with_balance(rest, account, amount);
        assert(w == seq![entries[0]] + wr);
        assert forall|k: Seq<char>| has_entry(rest, k) <==> (has_entry(entries, k) && k != entries[0].0) by {
            if has_entry(rest, k) {
                let i = choose|i: int| 0 <= i < rest.len() && rest[i].0 == k;
                assert(entries[i + 1].0 == k);
            }
            if has_entry(entries, k) && k != entries[0].0 {
                let i = choose|i: int| 0 <= i < entries.len() && entries[i].0 == k;
                assert(rest[i - 1].0 == k);
            }
        }
        assert forall|k: Seq<char>| has_entry(w, k) <==> (has_entry(wr, k) || k == entries[0].0) by {
            if has_entry(w, k) {
                let i = choose|i: int| 0 <= i < w.len() && w[i].0 == k;
                if i > 0 {
                    assert(wr[i - 1].0 == k);
                }
            }
            if has_entry(wr, k) {
                let i = choose|i: int| 0 <= i < wr.len() && wr[i].0 == k;
                assert(w[i + 1].0 == k);
            }
            if k == entries[0].0 {
                assert(w[0].0 == k);
            }
        }
        assert forall|i: int, j: int| 0 <= i < j < w.len() implies w[i].0 != w[j].0 by {
            if i == 0 {
                assert(w[j] == wr[j - 1]);
                if wr[j - 1].0 == entries[0].0 {
                    assert(has_entry(wr, entries[0].0));
                    assert(!has_entry(rest, entries[0].0));
                }
            } else {
                assert(w[i] == wr[i - 1] && w[j] == wr[j - 1]);
            }
        }
    }
}

/// With the first record of `account` at `i`, the balance is that record's
/// value and setting it replaces that record in place.
pub proof fn lemma_first_record(
    entries: Seq<(Seq<char>, nat)>,
    account: Seq<char>,
    i: int,
    amount: nat,
)
    requires
        0 <= i < entries.len(),
        entries[i].0 == account,
        forall|j: int| 0 <= j < i ==> entries[j].0 != account,
    ensures
        balance_in(entries, account) == entries[i].1,
        with_balance(entries, account, amount) == entries.update(i, (account, amount)),
    decreases i,
{
    if i > 0 {
        let rest = entries.drop_first();
        assert forall|j: int| 0 <= j < i - 1 implies rest[j].0 != account by {
            assert(rest[j] == entries[j + 1]);
        }
        lemma_first_record(rest, account, i - 1, amount);
        assert(with_balance(entries, account, amount) =~= entries.update(i, (account, amount)));
    }
}

/// Without a record of `account`, setting its balance appends one.
pub proof fn lemma_no_record(entries: Seq<(Seq<char>, nat)>, account: Seq<char>, amount: nat)
    requires
        forall|j: int| 0 <= j < entries.len() ==> entries[j].0 != account,
    ensures
        balance_in(entries, account) == 0,
        with_balance(entries, account, amount) == entries.push((account, amount)),
    decreases entries.len(),
{
    if entries.len() > 0 {
        let rest = entries.drop_first();
        assert forall|j: int| 0 <= j < rest.len() implies rest[j].0 != account by {
            assert(rest[j] == entries[j + 1]);
        }
        lemma_no_record(rest, account, amount);
        assert(with_balance(entries, account, amount) =~= entries.push((account, amount)));
    } else {
        assert(with_balance(entries, account, amount) =~= entries.push((account, amount)));
    }
}

/// The balance of `account` after a successful transfer of `amount` units
/// from `caller` to `receiver`, given its balance `before`.
pub open spec fn balance_after_transfer(
    account: Seq<char>,
    caller: Seq<char>,
    receiver: Seq<char>,
    amount: nat,
    before: nat,
) -> int {
    if account == caller && account == receiver {
        before as int
    } else if account == caller {
        before - amount
    } else if account == receiver {
        before + amount as int
    } else {
        before as int
    }
}

/// From a well-formed state a transfer never overflows, and when it succeeds it
/// moves `amount` units from `caller` to `receiver`, touches no other balance,
/// keeps the total supply, and yields a well-formed state.
pub proof fn lemma_transfer(s: TokenState, caller: Seq<char>, receiver: Seq<char>, amount: nat)
    requires
        s.wf(),
    ensures
        s.transfer_outcome(caller, receiver, amount) != Err::<TokenState, LedgerError>(
            LedgerError::ArithmeticOverflow,
        ),
        s.transfer_outcome(caller, receiver, amount) is Ok <==> amount <= s.balance(caller),
        match s.transfer_outcome(caller, receiver, amount) {
            Ok(next) => {
                &&& next.wf()
                &&& next.total_supply == s.total_supply
                &&& forall|a: Seq<char>|
                    #[trigger] next.balance(a) == balance_after_transfer(
                        a,
                        caller,
                        receiver,
                        amount,
                        s.balance(a),
                    )
            },
            Err(_) => true,
        },
{
    if amount <= s.balance(caller) && caller != receiver {
        lemma_two_balances_le_sum(s.entries, caller, receiver);
        let debited = (s.balance(caller) - amount) as nat;
        let e1 = with_balance(s.entries, caller, debited);
        let credited = s.balance(receiver) + amount;
        let e2 = with_balance(e1, receiver, credited);
        lemma_unique_with(s.entries, caller, debited);
        lemma_unique_with(e1, receiver, credited);
        lemma_sum_with(s.entries, caller, debited);
        lemma_balance_with(s.entries, caller, debited, receiver);
        lemma_sum_with(e1, receiver, credited);
        assert forall|a: Seq<char>|
            #[trigger] balance_in(e2, a) == balance_after_transfer(
                a,
                caller,
                receiver,
                amount,
                s.balance(a),
            ) by {
            lemma_balance_with(e1, receiver, credited, a);
            lemma_balance_with(s.entries, caller, debited, a);
        }
    }
}

} // verus!
